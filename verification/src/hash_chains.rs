//! A match finder that keeps, for each bucket of the rolling hash, the list
//! of the positions seen there, and picks among them the match that gains
//! most over the estimated size of its header.

use crate::constants::GLZ_MIN_MATCH;
use crate::format::is_match;
use crate::sequence::EncodeSequence;
use crate::utils::{bucket, common_prefix_len, count, hash_chains_hash, lemma_common_prefix_from};
use vstd::arithmetic::power2::pow2;
use vstd::prelude::*;
use vstd::slice::slice_subrange;

verus! {

/// Number of bytes that the hash of a position covers.
pub const HASH_CHAINS_MINIMAL_MATCH: usize = 4;

/// Gain above which a match ends the search.
pub const GOOD_ENOUGH_GAIN: i64 = 100;

/// The number of base-256 digits that the numbers below `x` take: the
/// smallest `c` with `x` at most 256 to the power of `c`.
pub open spec fn ceil_log256(x: nat) -> nat
    decreases x,
{
    if x <= 1 {
        0
    } else {
        1 + ceil_log256((x + 255) / 256)
    }
}

/// The estimated size in bytes of the header of a sequence: one for the
/// token, the digits of the literal length where it is above seven, the
/// digits of the match length less ten where it is above ten, and one more
/// than the digits of a quarter of the offset.
pub open spec fn estimated_cost(literals: nat, ml: nat, offset: nat) -> nat {
    1 + (if literals > 7 {
        ceil_log256(literals)
    } else {
        0
    }) + (if ml > 10 {
        ceil_log256((ml - 10) as nat)
    } else {
        0
    }) + 1 + ceil_log256(offset / 4)
}

/// A number that fits in 64 bits has at most eight digits.
pub proof fn lemma_ceil_log256_bound(x: nat)
    ensures
        x <= 0x100 ==> ceil_log256(x) <= 1,
        x <= 0x1_0000 ==> ceil_log256(x) <= 2,
        x <= 0x100_0000 ==> ceil_log256(x) <= 3,
        x <= 0x1_0000_0000 ==> ceil_log256(x) <= 4,
        x <= 0x100_0000_0000 ==> ceil_log256(x) <= 5,
        x <= 0x1_0000_0000_0000 ==> ceil_log256(x) <= 6,
        x <= 0x100_0000_0000_0000 ==> ceil_log256(x) <= 7,
        x <= 0x1_0000_0000_0000_0000 ==> ceil_log256(x) <= 8,
    decreases x,
{
    if x > 1 {
        lemma_ceil_log256_bound((x + 255) / 256);
    }
}

/// The number of base-256 digits that the numbers below `x` take.
fn digits(x: usize) -> (c: u32)
    ensures
        c == ceil_log256(x as nat),
        c <= 8,
{
    proof {
        lemma_ceil_log256_bound(x as nat);
    }
    let mut rest: usize = x;
    let mut c: u32 = 0;
    while rest > 1
        invariant
            c + ceil_log256(rest as nat) == ceil_log256(x as nat),
            ceil_log256(x as nat) <= 8,
        decreases rest,
    {
        let carry: usize = if rest % 256 != 0 {
            1
        } else {
            0
        };
        rest = rest / 256 + carry;
        c += 1;
    }
    c
}

/// Estimates the size in bytes of the header of a sequence with `literals`
/// literals and a match of `ml` bytes at distance `offset`.
pub fn estimate_header_cost(literals: usize, ml: usize, offset: usize) -> (cost: u32)
    ensures
        cost == estimated_cost(literals as nat, ml as nat, offset as nat),
        2 <= cost <= 26,
{
    let mut l_cost: u32 = 0;
    let mut ml_cost: u32 = 0;
    if literals > 7 {
        l_cost += digits(literals);
    }
    let token_match = GLZ_MIN_MATCH + 7;
    if ml > token_match {
        ml_cost += digits(ml - token_match);
    }
    let off_cost: u32 = 1 + digits(offset / 4);
    1 + l_cost + ml_cost + off_cost
}

/// The best match found so far while a list is searched.
pub struct Choice {
    /// Whether the search has found a match.
    pub found: bool,
    /// The length of the best match.
    pub ml: int,
    /// The distance of the best match.
    pub ol: int,
    /// The estimated size of the header of the best match.
    pub cost: int,
}

/// The best match after the candidate `cand` was looked at, and whether the
/// search ends with it. A candidate that is zero or not before `pos`, or
/// whose common prefix with `pos` is shorter than three bytes, changes
/// nothing. Another becomes the best where its length less its estimated
/// cost is above that of the best so far, and ends the search where it is
/// above a hundred.
pub open spec fn considered(
    src: Seq<u8>,
    cand: int,
    pos: int,
    literals: int,
    best: Choice,
) -> (Choice, bool) {
    let k = common_prefix_len(
        src.subrange(pos, src.len() as int),
        src.subrange(cand, src.len() as int),
    ) as int;
    if cand == 0 || cand >= pos || k < GLZ_MIN_MATCH {
        (best, false)
    } else {
        let cost = estimated_cost(literals as nat, k as nat, (pos - cand) as nat) as int;
        if k - cost > best.ml - best.cost {
            (Choice { found: true, ml: k, ol: pos - cand, cost }, k - cost > GOOD_ENOUGH_GAIN)
        } else {
            (best, false)
        }
    }
}

/// The best match for the position `pos` of `src` among the last `searches`
/// positions of `row`, the newest looked at first.
pub open spec fn chosen(
    src: Seq<u8>,
    row: Seq<u32>,
    pos: int,
    literals: int,
    searches: int,
    best: Choice,
) -> Choice
    decreases row.len(),
{
    if searches <= 0 || row.len() == 0 {
        best
    } else {
        let (next, stop) = considered(src, row.last() as int, pos, literals, best);
        if stop {
            next
        } else {
            chosen(src, row.drop_last(), pos, literals, searches - 1, next)
        }
    }
}

/// A search either leaves the best match as it was, or finds a match at
/// `pos` of at least three bytes.
pub proof fn lemma_chosen_is_match(
    src: Seq<u8>,
    row: Seq<u32>,
    pos: int,
    literals: int,
    searches: int,
    best: Choice,
)
    requires
        0 <= pos <= src.len(),
    ensures
        ({
            let r = chosen(src, row, pos, literals, searches, best);
            r == best || (r.found && r.ml >= GLZ_MIN_MATCH && 0 < r.ol <= pos && r.cost
                == estimated_cost(literals as nat, r.ml as nat, r.ol as nat) && is_match(
                src,
                pos,
                r.ol,
                r.ml,
            ))
        }),
    decreases row.len(),
{
    if searches <= 0 || row.len() == 0 {
    } else {
        let cand = row.last() as int;
        let (next, stop) = considered(src, cand, pos, literals, best);
        if next != best {
            let a = src.subrange(pos, src.len() as int);
            let b = src.subrange(cand, src.len() as int);
            lemma_common_prefix_from(a, b, 0);
            assert(is_match(src, pos, next.ol, next.ml)) by {
                assert forall|i: int| pos <= i < pos + next.ml implies src[i] == #[trigger] src[i
                    - (pos - cand)] by {
                    assert(a[i - pos] == b[i - pos]);
                }
            }
        }
        if !stop {
            lemma_chosen_is_match(src, row.drop_last(), pos, literals, searches - 1, next);
        }
    }
}

/// The lists of positions of a finder, and for each list whether it was
/// used.
pub struct Lists {
    /// For each bucket, zero until a position was put in its list.
    pub entries: Seq<u16>,
    /// For each bucket, the positions put in, oldest first.
    pub rows: Seq<Seq<u32>>,
}

/// A match finder over lists of positions.
pub struct HashChains {
    hash_log: usize,
    maximum_depth: usize,
    entries: Vec<u16>,
    table: Vec<Vec<u32>>,
}

impl HashChains {
    #[verifier::type_invariant]
    spec fn well_formed(self) -> bool {
        &&& 1 <= self.hash_log <= 32
        &&& self.entries@.len() == self.table@.len()
        &&& self.table@.len() >= pow2(self.hash_log as nat)
    }

    /// The lists and their marks.
    pub closed spec fn lists(&self) -> Lists {
        Lists {
            entries: self.entries@,
            rows: Seq::new(self.table@.len(), |i: int| self.table@[i]@),
        }
    }

    /// The number of bits of a bucket index.
    pub closed spec fn log(&self) -> nat {
        self.hash_log as nat
    }

    /// The largest number of positions that a search looks at.
    pub closed spec fn depth(&self) -> int {
        self.maximum_depth as int
    }

    /// Whether every list is empty and unused.
    pub open spec fn is_clear(&self) -> bool {
        &&& forall|i: int| 0 <= i < self.lists().entries.len() ==> self.lists().entries[i] == 0
        &&& forall|i: int| 0 <= i < self.lists().rows.len() ==> self.lists().rows[i].len() == 0
    }

    /// A finder with `rows` empty lists, for buckets of `hash_log` bits.
    pub fn new(rows: usize, hash_log: usize, maximum_depth: usize) -> (finder: Self)
        requires
            1 <= hash_log <= 32,
            rows >= pow2(hash_log as nat),
        ensures
            finder.is_clear(),
            finder.lists().entries.len() == rows,
            finder.lists().rows.len() == rows,
            finder.log() == hash_log,
            finder.depth() == maximum_depth,
    {
        let entries: Vec<u16> = vec![0u16; rows];
        let mut table: Vec<Vec<u32>> = Vec::with_capacity(rows);
        let mut i: usize = 0;
        while i < rows
            invariant
                i <= rows,
                table@.len() == i,
                forall|j: int| 0 <= j < i ==> table@[j]@.len() == 0,
            decreases rows - i,
        {
            table.push(Vec::with_capacity(maximum_depth / 2));
            i += 1;
        }
        HashChains { hash_log, maximum_depth, entries, table }
    }

    /// Empties every list and marks it unused.
    pub fn clear(&mut self)
        ensures
            final(self).is_clear(),
            final(self).lists().entries.len() == old(self).lists().entries.len(),
            final(self).lists().rows.len() == old(self).lists().rows.len(),
            final(self).log() == old(self).log(),
            final(self).depth() == old(self).depth(),
    {
        proof {
            use_type_invariant(&*self);
        }
        let rows = self.table.len();
        let mut i: usize = 0;
        while i < rows
            invariant
                i <= rows,
                rows == self.table@.len(),
                self.entries@.len() == rows,
                self.table@.len() == old(self).table@.len(),
                self.hash_log == old(self).hash_log,
                self.maximum_depth == old(self).maximum_depth,
                1 <= self.hash_log <= 32,
                self.table@.len() >= pow2(self.hash_log as nat),
                forall|j: int| 0 <= j < i ==> self.entries@[j] == 0,
                forall|j: int| 0 <= j < i ==> self.table@[j]@.len() == 0,
            decreases rows - i,
        {
            self.entries[i] = 0;
            self.table[i].clear();
            i += 1;
        }
    }

    /// Looks in the list `hash` for the best match for the position
    /// `window_position` of `source`, then adds the position to the list.
    fn find_match(
        &mut self,
        source: &[u8],
        hash: usize,
        window_position: usize,
        num_literals: usize,
        seq: &mut EncodeSequence,
    ) -> (valid_seq: bool)
        requires
            hash < old(self).lists().rows.len(),
            window_position <= source.len(),
            source.len() <= u32::MAX,
            old(seq).ml == 0,
            old(seq).ol == 0,
            old(seq).cost == 0,
        ensures
            final(self).lists() == (Lists {
                entries: old(self).lists().entries,
                rows: old(self).lists().rows.update(
                    hash as int,
                    old(self).lists().rows[hash as int].push(window_position as u32),
                ),
            }),
            final(self).log() == old(self).log(),
            final(self).depth() == old(self).depth(),
            ({
                let row = old(self).lists().rows[hash as int];
                let best = chosen(
                    source@,
                    row,
                    window_position as int,
                    num_literals as int,
                    old(self).depth(),
                    Choice { found: false, ml: 0, ol: 0, cost: 0 },
                );
                &&& valid_seq == best.found
                &&& valid_seq ==> final(seq).ml == best.ml && final(seq).ol == best.ol
                &&& valid_seq ==> final(seq).cost == best.cost
                &&& valid_seq ==> *final(seq) == (EncodeSequence {
                    ll: num_literals,
                    ml: final(seq).ml,
                    ol: final(seq).ol,
                    cost: final(seq).cost,
                    ..*old(seq)
                })
                &&& !valid_seq ==> *final(seq) == *old(seq)
            }),
            valid_seq ==> final(seq).ml >= GLZ_MIN_MATCH && is_match(
                source@,
                window_position as int,
                final(seq).ol as int,
                final(seq).ml as int,
            ),
    {
        proof {
            use_type_invariant(&*self);
        }
        let ghost row = self.table@[hash as int]@;
        let ghost none = Choice { found: false, ml: 0, ol: 0, cost: 0 };
        let ghost goal = chosen(
            source@,
            row,
            window_position as int,
            num_literals as int,
            self.maximum_depth as int,
            none,
        );
        proof {
            lemma_chosen_is_match(
                source@,
                row,
                window_position as int,
                num_literals as int,
                self.maximum_depth as int,
                none,
            );
        }
        let len = self.table[hash].len();
        let searches_to_perform = if len < self.maximum_depth {
            len
        } else {
            self.maximum_depth
        };
        let mut valid_seq = false;
        let mut done: usize = 0;
        assert(row.subrange(0, len as int) =~= row);
        while done < searches_to_perform
            invariant_except_break
                goal == chosen(
                    source@,
                    row.subrange(0, len - done),
                    window_position as int,
                    num_literals as int,
                    self.maximum_depth - done,
                    Choice {
                        found: valid_seq,
                        ml: seq.ml as int,
                        ol: seq.ol as int,
                        cost: seq.cost as int,
                    },
                ),
            invariant
                hash < self.table@.len(),
                row == self.table@[hash as int]@,
                len == row.len(),
                done <= searches_to_perform <= len,
                searches_to_perform <= self.maximum_depth,
                searches_to_perform == len || searches_to_perform == self.maximum_depth,
                window_position <= source.len(),
                source.len() <= u32::MAX,
                seq.ml <= source.len(),
                seq.cost <= 26,
                valid_seq ==> *seq == (EncodeSequence {
                    ll: num_literals,
                    ml: seq.ml,
                    ol: seq.ol,
                    cost: seq.cost,
                    ..*old(seq)
                }),
                !valid_seq ==> *seq == *old(seq),
            ensures
                goal == (Choice {
                    found: valid_seq,
                    ml: seq.ml as int,
                    ol: seq.ol as int,
                    cost: seq.cost as int,
                }),
                valid_seq ==> *seq == (EncodeSequence {
                    ll: num_literals,
                    ml: seq.ml,
                    ol: seq.ol,
                    cost: seq.cost,
                    ..*old(seq)
                }),
                !valid_seq ==> *seq == *old(seq),
            decreases searches_to_perform - done,
        {
            let ghost rest = row.subrange(0, len - done);
            assert(rest.drop_last() =~= row.subrange(0, len - done - 1));
            let offset = self.table[hash][len - 1 - done] as usize;
            assert(offset == rest.last());
            done += 1;
            if offset == 0 || offset >= window_position {
                continue ;
            }
            let ghost a = source@.subrange(window_position as int, source@.len() as int);
            let ghost b = source@.subrange(offset as int, source@.len() as int);
            proof {
                lemma_common_prefix_from(a, b, 0);
            }
            let curr_match = count(
                slice_subrange(source, window_position, source.len()),
                slice_subrange(source, offset, source.len()),
            );
            if curr_match < GLZ_MIN_MATCH {
                continue ;
            }
            let curr_offset = window_position - offset;
            let new_cost = estimate_header_cost(num_literals, curr_match, curr_offset);
            let nc = curr_match as i64 - new_cost as i64;
            let oc = seq.ml as i64 - seq.cost as i64;
            if nc > oc {
                seq.cost = new_cost as usize;
                seq.ll = num_literals;
                seq.ml = curr_match;
                seq.ol = curr_offset;
                valid_seq = true;
                if nc > GOOD_ENOUGH_GAIN {
                    break ;
                }
            }
        }
        self.table[hash].push(window_position as u32);
        assert(self.lists().rows =~= old(self).lists().rows.update(
            hash as int,
            row.push(window_position as u32),
        ));
        valid_seq
    }

    /// Looks for the best match for the position `window_pos` of `source`
    /// among the positions seen in its bucket, and adds the position to the
    /// bucket. `sequence` starts `num_literals` bytes before `window_pos`;
    /// where a match is found it takes the literal length, the length, the
    /// offset and the estimated cost of the match, and else holds zeros.
    pub fn find_longest_match_greedy(
        &mut self,
        source: &[u8],
        window_pos: usize,
        num_literals: usize,
        sequence: &mut EncodeSequence,
    ) -> (found: bool)
        requires
            num_literals <= window_pos,
            window_pos + 8 <= source.len(),
            source.len() <= u32::MAX,
        ensures
            final(self).log() == old(self).log(),
            final(self).depth() == old(self).depth(),
            ({
                let hash = bucket(
                    source@,
                    window_pos as int,
                    HASH_CHAINS_MINIMAL_MATCH as nat,
                    old(self).log(),
                ) as int;
                let used = old(self).lists().entries[hash] != 0;
                let row = old(self).lists().rows[hash];
                let best = chosen(
                    source@,
                    row,
                    window_pos as int,
                    num_literals as int,
                    old(self).depth(),
                    Choice { found: false, ml: 0, ol: 0, cost: 0 },
                );
                &&& final(self).lists() == (Lists {
                    entries: old(self).lists().entries.update(
                        hash,
                        if used {
                            old(self).lists().entries[hash]
                        } else {
                            1u16
                        },
                    ),
                    rows: old(self).lists().rows.update(hash, row.push(window_pos as u32)),
                })
                &&& found == (used && best.found)
                &&& found ==> final(sequence).ml == best.ml && final(sequence).ol == best.ol
                    && final(sequence).cost == best.cost
                &&& found ==> final(sequence).start == window_pos - num_literals
                &&& found ==> final(sequence).ll == num_literals
                &&& !found ==> *final(sequence) == (EncodeSequence {
                    start: (window_pos - num_literals) as usize,
                    ll: 0,
                    ml: 0,
                    ol: 0,
                    cost: 0,
                })
            }),
            found ==> final(sequence).ml >= GLZ_MIN_MATCH && is_match(
                source@,
                window_pos as int,
                final(sequence).ol as int,
                final(sequence).ml as int,
            ),
    {
        proof {
            use_type_invariant(&*self);
        }
        sequence.ll = 0;
        sequence.ml = 0;
        sequence.ol = 0;
        sequence.cost = 0;
        sequence.start = window_pos - num_literals;

        let hash = hash_chains_hash(source, window_pos, HASH_CHAINS_MINIMAL_MATCH, self.hash_log);
        if self.entries[hash] == 0 {
            let ghost row = self.table@[hash as int]@;
            self.entries[hash] = 1;
            self.table[hash].push(window_pos as u32);
            assert(self.lists().rows =~= old(self).lists().rows.update(
                hash as int,
                row.push(window_pos as u32),
            ));
            return false;
        }
        assert(self.lists().entries =~= old(self).lists().entries.update(
            hash as int,
            old(self).lists().entries[hash as int],
        ));
        self.find_match(source, hash, window_pos, num_literals, sequence)
    }
}

} // verus!
