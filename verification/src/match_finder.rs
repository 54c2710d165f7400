//! The hash-chain match finder: for each bucket of the rolling hash a chain
//! of earlier positions, newest first, that is searched for the longest
//! match.

use crate::constants::GLZ_MIN_MATCH;
use crate::format::is_match;
use crate::sequence::EncodeSequence;
use crate::utils::{
    bucket, common_prefix_len, count, hash_chains_hash, lemma_common_prefix_from,
};
use vstd::arithmetic::power2::lemma2_to64;
use vstd::prelude::*;
use vstd::slice::slice_subrange;

verus! {

/// Number of bits of a bucket index.
pub const HASH_FOUR_LOG_SIZE: usize = 17;

/// Number of buckets.
pub const HASH_FOUR_SIZE: usize = 131_072;

/// Position of the cached first byte in a table entry.
pub const FIRST_BYTE_OFFSET: u32 = 24;

/// Largest block whose positions fit in a table entry.
pub const MAX_BLOCK_SIZE: usize = 16_777_216;

/// The table entry for the position `pos` that holds the byte `byte`.
pub open spec fn entry_of(byte: u8, pos: int) -> u32 {
    (byte * 16_777_216 + pos) as u32
}

/// The position that a table entry stands for.
pub open spec fn entry_position(entry: u32) -> int {
    entry as int % 16_777_216
}

/// The first byte that a table entry caches.
pub open spec fn entry_byte(entry: u32) -> u8 {
    (entry / 16_777_216) as u8
}

/// The heads and the links of a finder.
pub struct Chains {
    /// For each bucket, the entry of the newest position put in, or zero.
    pub heads: Seq<u32>,
    /// For each position, taken modulo the number of links, the entry that
    /// was the head of its bucket before it.
    pub next: Seq<u32>,
}

/// The best match found so far while a chain is walked.
pub struct Best {
    /// Whether the walk has found a match.
    pub found: bool,
    /// The length of the best match, or the length to beat.
    pub ml: int,
    /// The distance of the best match.
    pub ol: int,
}

/// The chains after the position `pos` of `src` was put at the head of its
/// bucket, the former head becoming its link.
pub open spec fn inserted(chains: Chains, src: Seq<u8>, pos: int) -> Chains {
    let h = bucket(src, pos, 4, HASH_FOUR_LOG_SIZE as nat) as int;
    Chains {
        heads: chains.heads.update(h, entry_of(src[pos], pos)),
        next: chains.next.update(pos % (chains.next.len() as int), chains.heads[h]),
    }
}

/// The chains after the positions from `from` up to `to` of `src` were put
/// in, in rising order.
pub open spec fn advanced(chains: Chains, src: Seq<u8>, from: int, to: int) -> Chains
    decreases to - from,
{
    if to <= from {
        chains
    } else {
        inserted(advanced(chains, src, from, to - 1), src, to - 1)
    }
}

/// The best match for the position `pos` of `src` after a walk of at most
/// `depth` hops that starts at `entry` and follows the links `next`.
///
/// The walk ends at an entry for position zero or for a position that is not
/// before `pos`. A candidate whose cached byte is the byte at `pos` is measured
/// by the common prefix of `src` from the candidate and from `pos` on; it
/// becomes the best where that is at least `min_length`, longer than the best
/// so far, and more than three bytes back. A match longer than `nice_length`
/// ends the walk.
pub open spec fn searched(
    src: Seq<u8>,
    next: Seq<u32>,
    pos: int,
    entry: u32,
    depth: int,
    best: Best,
    min_length: int,
    nice_length: int,
) -> Best
    decreases depth,
{
    let cand = entry_position(entry);
    if depth <= 0 || cand == 0 || cand >= pos {
        best
    } else {
        let following = next[cand % (next.len() as int)];
        let k = common_prefix_len(
            src.subrange(cand, src.len() as int),
            src.subrange(pos, src.len() as int),
        ) as int;
        if entry_byte(entry) == src[pos] && k >= min_length && k > best.ml && pos - cand > 3 {
            let better = Best { found: true, ml: k, ol: pos - cand };
            if k > nice_length {
                better
            } else {
                searched(src, next, pos, following, depth - 1, better, min_length, nice_length)
            }
        } else {
            searched(src, next, pos, following, depth - 1, best, min_length, nice_length)
        }
    }
}

/// A walk either leaves the best match as it was, or finds a match at `pos`
/// that is longer, at least `min_length` long and more than three bytes back.
pub proof fn lemma_searched_is_match(
    src: Seq<u8>,
    next: Seq<u32>,
    pos: int,
    entry: u32,
    depth: int,
    best: Best,
    min_length: int,
    nice_length: int,
)
    requires
        0 <= pos <= src.len(),
        0 <= best.ml,
    ensures
        ({
            let r = searched(src, next, pos, entry, depth, best, min_length, nice_length);
            r == best || (r.found && r.ml > best.ml && r.ml >= min_length && 3 < r.ol <= pos
                && is_match(src, pos, r.ol, r.ml))
        }),
    decreases depth,
{
    let cand = entry_position(entry);
    if depth <= 0 || cand == 0 || cand >= pos {
    } else {
        let following = next[cand % (next.len() as int)];
        let a = src.subrange(cand, src.len() as int);
        let b = src.subrange(pos, src.len() as int);
        let k = common_prefix_len(a, b) as int;
        if entry_byte(entry) == src[pos] && k >= min_length && k > best.ml && pos - cand > 3 {
            let better = Best { found: true, ml: k, ol: pos - cand };
            lemma_common_prefix_from(a, b, 0);
            assert(is_match(src, pos, better.ol, better.ml)) by {
                assert forall|i: int| pos <= i < pos + k implies src[i] == #[trigger] src[i - (pos
                    - cand)] by {
                    assert(a[i - pos] == b[i - pos]);
                }
            }
            if k <= nice_length {
                lemma_searched_is_match(
                    src,
                    next,
                    pos,
                    following,
                    depth - 1,
                    better,
                    min_length,
                    nice_length,
                );
            }
        } else {
            lemma_searched_is_match(
                src,
                next,
                pos,
                following,
                depth - 1,
                best,
                min_length,
                nice_length,
            );
        }
    }
}

/// A match finder over hash chains.
pub struct HcMatchFinder {
    hc_tab: Vec<u32>,
    next_tab: Vec<u32>,
    search_depth: i32,
    min_length: usize,
    nice_length: usize,
}

impl HcMatchFinder {
    #[verifier::type_invariant]
    spec fn well_formed(self) -> bool {
        &&& self.hc_tab@.len() == HASH_FOUR_SIZE
        &&& self.next_tab@.len() > 0
        &&& self.min_length >= GLZ_MIN_MATCH
    }

    /// The heads and the links.
    pub closed spec fn chains(&self) -> Chains {
        Chains { heads: self.hc_tab@, next: self.next_tab@ }
    }

    /// The largest number of hops of a walk.
    pub closed spec fn depth(&self) -> int {
        self.search_depth as int
    }

    /// The smallest length of a match.
    pub closed spec fn min_match(&self) -> int {
        self.min_length as int
    }

    /// The length above which a match ends the walk.
    pub closed spec fn nice_match(&self) -> int {
        self.nice_length as int
    }

    /// Whether every bucket is empty.
    pub open spec fn is_reset(&self) -> bool {
        forall|h: int| 0 <= h < self.chains().heads.len() ==> self.chains().heads[h] == 0
    }

    /// A finder with empty buckets and `buf_size` links.
    pub fn new(buf_size: usize, search_depth: i32, min_length: usize, nice_length: usize) -> (finder:
        HcMatchFinder)
        requires
            buf_size > 0,
            min_length >= GLZ_MIN_MATCH,
        ensures
            finder.is_reset(),
            finder.chains().heads.len() == HASH_FOUR_SIZE,
            finder.chains().next.len() == buf_size,
            forall|i: int| 0 <= i < buf_size ==> finder.chains().next[i] == 0,
            finder.depth() == search_depth,
            finder.min_match() == min_length,
            finder.nice_match() == nice_length,
    {
        let hc_tab: Vec<u32> = vec![0u32; HASH_FOUR_SIZE];
        let next_tab: Vec<u32> = vec![0u32; buf_size];
        HcMatchFinder { hc_tab, next_tab, search_depth, min_length, nice_length }
    }

    /// Empties every bucket. The links stay: they are reached through the
    /// buckets only.
    pub fn reset(&mut self)
        ensures
            final(self).is_reset(),
            final(self).chains().heads.len() == old(self).chains().heads.len(),
            final(self).chains().next == old(self).chains().next,
            final(self).depth() == old(self).depth(),
            final(self).min_match() == old(self).min_match(),
            final(self).nice_match() == old(self).nice_match(),
    {
        proof {
            use_type_invariant(&*self);
        }
        let mut i: usize = 0;
        while i < HASH_FOUR_SIZE
            invariant
                i <= HASH_FOUR_SIZE,
                self.hc_tab@.len() == HASH_FOUR_SIZE,
                self.next_tab@ == old(self).next_tab@,
                self.next_tab@.len() > 0,
                self.search_depth == old(self).search_depth,
                self.min_length == old(self).min_length,
                self.min_length >= GLZ_MIN_MATCH,
                self.nice_length == old(self).nice_length,
                forall|h: int| 0 <= h < i ==> self.hc_tab@[h] == 0,
            decreases HASH_FOUR_SIZE - i,
        {
            self.hc_tab[i] = 0;
            i += 1;
        }
    }

    /// Puts the position `pos` of `bytes` at the head of its bucket and
    /// returns the former head.
    fn insert(&mut self, bytes: &[u8], pos: usize) -> (head: u32)
        requires
            pos + 8 <= bytes.len(),
            bytes.len() <= MAX_BLOCK_SIZE,
        ensures
            final(self).chains() == inserted(old(self).chains(), bytes@, pos as int),
            final(self).chains().heads.len() == old(self).chains().heads.len(),
            final(self).chains().next.len() == old(self).chains().next.len(),
            head == old(self).chains().heads[bucket(
                bytes@,
                pos as int,
                4,
                HASH_FOUR_LOG_SIZE as nat,
            ) as int],
            final(self).depth() == old(self).depth(),
            final(self).min_match() == old(self).min_match(),
            final(self).nice_match() == old(self).nice_match(),
    {
        proof {
            use_type_invariant(&*self);
            lemma2_to64();
        }
        let curr_byte = bytes[pos];
        let hash = hash_chains_hash(bytes, pos, 4, HASH_FOUR_LOG_SIZE);
        let head = self.hc_tab[hash];
        let place = pos as u32;
        assert(((curr_byte as u32) << 24) | place == curr_byte * 16_777_216 + place) by (bit_vector)
            requires
                place < 16_777_216,
        ;
        self.hc_tab[hash] = ((curr_byte as u32) << FIRST_BYTE_OFFSET) | place;
        let slot = pos % self.next_tab.len();
        self.next_tab[slot] = head;
        head
    }

    /// Looks for the longest match for the position `start` of `bytes` among
    /// the earlier positions of its bucket, and puts `start` at the head of the
    /// bucket. Where a match is found, `sequence` takes its length and offset,
    /// and starts `literal_length` bytes before `start`; else it stays as it
    /// was. Only a match longer than `sequence.ml` is found.
    pub fn longest_four_match(
        &mut self,
        bytes: &[u8],
        start: usize,
        literal_length: usize,
        sequence: &mut EncodeSequence,
    ) -> (found: bool)
        requires
            start + 8 <= bytes.len(),
            bytes.len() <= MAX_BLOCK_SIZE,
            literal_length <= start,
        ensures
            final(self).chains() == inserted(old(self).chains(), bytes@, start as int),
            final(self).chains().heads.len() == old(self).chains().heads.len(),
            final(self).chains().next.len() == old(self).chains().next.len(),
            final(self).depth() == old(self).depth(),
            final(self).min_match() == old(self).min_match(),
            final(self).nice_match() == old(self).nice_match(),
            ({
                let head = old(self).chains().heads[bucket(
                    bytes@,
                    start as int,
                    4,
                    HASH_FOUR_LOG_SIZE as nat,
                ) as int];
                let best = searched(
                    bytes@,
                    final(self).chains().next,
                    start as int,
                    head,
                    old(self).depth(),
                    Best { found: false, ml: old(sequence).ml as int, ol: old(sequence).ol as int },
                    old(self).min_match(),
                    old(self).nice_match(),
                );
                &&& found == best.found
                &&& found ==> final(sequence).ml == best.ml && final(sequence).ol == best.ol
                &&& found ==> *final(sequence) == (EncodeSequence {
                    start: (start - literal_length) as usize,
                    ml: final(sequence).ml,
                    ol: final(sequence).ol,
                    ..*old(sequence)
                })
                &&& !found ==> *final(sequence) == *old(sequence)
            }),
            found ==> GLZ_MIN_MATCH <= final(sequence).ml && old(sequence).ml < final(sequence).ml
                && 3 < final(sequence).ol <= start && is_match(
                bytes@,
                start as int,
                final(sequence).ol as int,
                final(sequence).ml as int,
            ),
    {
        proof {
            use_type_invariant(&*self);
        }
        let curr_byte = bytes[start];
        let head = self.insert(bytes, start);
        proof {
            use_type_invariant(&*self);
        }
        let ghost first = Best { found: false, ml: sequence.ml as int, ol: sequence.ol as int };
        let ghost depth0 = self.search_depth as int;
        let ghost goal = searched(
            bytes@,
            self.next_tab@,
            start as int,
            head,
            depth0,
            first,
            self.min_length as int,
            self.nice_length as int,
        );
        proof {
            lemma_searched_is_match(
                bytes@,
                self.next_tab@,
                start as int,
                head,
                depth0,
                first,
                self.min_length as int,
                self.nice_length as int,
            );
        }
        let mut entry = head;
        let mut depth = self.search_depth;
        let mut match_found = false;
        loop
            invariant_except_break
                goal == searched(
                    bytes@,
                    self.next_tab@,
                    start as int,
                    entry,
                    depth as int,
                    Best { found: match_found, ml: sequence.ml as int, ol: sequence.ol as int },
                    self.min_length as int,
                    self.nice_length as int,
                ),
            invariant
                start + 8 <= bytes.len(),
                bytes.len() <= MAX_BLOCK_SIZE,
                literal_length <= start,
                curr_byte == bytes@[start as int],
                self.next_tab@.len() > 0,
                self.min_length >= GLZ_MIN_MATCH,
                match_found ==> *sequence == (EncodeSequence {
                    start: (start - literal_length) as usize,
                    ml: sequence.ml,
                    ol: sequence.ol,
                    ..*old(sequence)
                }),
                !match_found ==> *sequence == *old(sequence),
            ensures
                goal == (Best {
                    found: match_found,
                    ml: sequence.ml as int,
                    ol: sequence.ol as int,
                }),
                match_found ==> *sequence == (EncodeSequence {
                    start: (start - literal_length) as usize,
                    ml: sequence.ml,
                    ol: sequence.ol,
                    ..*old(sequence)
                }),
                !match_found ==> *sequence == *old(sequence),
            decreases depth,
        {
            assert(entry & 0xFF_FFFF == entry % 16_777_216 && entry >> 24 == entry / 16_777_216)
                by (bit_vector);
            let cur_offset = (entry & 0xFF_FFFF) as usize;
            if depth <= 0 || cur_offset == 0 || cur_offset >= start {
                break ;
            }
            depth -= 1;
            let first_match_byte = (entry >> FIRST_BYTE_OFFSET) as u8;
            let following = self.next_tab[cur_offset % self.next_tab.len()];
            let ghost a = bytes@.subrange(cur_offset as int, bytes@.len() as int);
            let ghost b = bytes@.subrange(start as int, bytes@.len() as int);
            proof {
                lemma_common_prefix_from(a, b, 0);
            }
            if first_match_byte == curr_byte {
                // A candidate beats the best so far only if it agrees with
                // the current position one byte past the best length.
                let may_beat = sequence.ml == 0 || (sequence.ml < bytes.len() - start
                    && bytes[cur_offset + sequence.ml] == bytes[start + sequence.ml]);
                if may_beat {
                    let new_match_length = count(
                        slice_subrange(bytes, cur_offset, bytes.len()),
                        slice_subrange(bytes, start, bytes.len()),
                    );
                    let diff = start - cur_offset;
                    if new_match_length >= self.min_length && new_match_length > sequence.ml
                        && diff > 3 {
                        sequence.ml = new_match_length;
                        sequence.ol = diff;
                        sequence.start = start - literal_length;
                        match_found = true;
                        if new_match_length > self.nice_length {
                            break ;
                        }
                    }
                } else {
                    assert(common_prefix_len(a, b) <= sequence.ml) by {
                        if start + sequence.ml < bytes.len() && common_prefix_len(a, b)
                            > sequence.ml {
                            assert(a[sequence.ml as int] == b[sequence.ml as int]);
                        }
                    }
                }
            }
            entry = following;
        }
        match_found
    }

    /// Puts the positions `start + 1` up to `start + length - 1` of
    /// `window_start` into their buckets, as far as eight bytes can be read at
    /// them.
    pub fn advance_four_match(&mut self, window_start: &[u8], start: usize, length: usize)
        requires
            start + length <= window_start.len(),
            window_start.len() <= MAX_BLOCK_SIZE,
        ensures
            final(self).chains() == advanced(
                old(self).chains(),
                window_start@,
                start + 1,
                advance_end(window_start@.len() as int, start as int, length as int),
            ),
            final(self).chains().heads.len() == old(self).chains().heads.len(),
            final(self).chains().next.len() == old(self).chains().next.len(),
            final(self).depth() == old(self).depth(),
            final(self).min_match() == old(self).min_match(),
            final(self).nice_match() == old(self).nice_match(),
    {
        let mut position = start + 1;
        while position < start + length && position + 8 <= window_start.len()
            invariant
                start + 1 <= position,
                start + length <= window_start.len(),
                window_start.len() <= MAX_BLOCK_SIZE,
                position <= advance_end(window_start@.len() as int, start as int, length as int),
                self.chains() == advanced(
                    old(self).chains(),
                    window_start@,
                    start + 1,
                    position as int,
                ),
                self.chains().heads.len() == old(self).chains().heads.len(),
                self.chains().next.len() == old(self).chains().next.len(),
                self.depth() == old(self).depth(),
                self.min_match() == old(self).min_match(),
                self.nice_match() == old(self).nice_match(),
            decreases window_start.len() - position,
        {
            self.insert(window_start, position);
            position += 1;
        }
    }
}

/// The position at which the insertions that follow a match of `length`
/// bytes at `start` end: the end of the match, or the last position at which
/// eight bytes can be read, and never before `start + 1`.
pub open spec fn advance_end(len: int, start: int, length: int) -> int {
    let end = if start + length <= len - 7 {
        start + length
    } else {
        len - 7
    };
    if end < start + 1 {
        start + 1
    } else {
        end
    }
}

} // verus!
