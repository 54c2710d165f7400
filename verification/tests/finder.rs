use glz::hash_chains::{estimate_header_cost, HashChains};
use glz::match_finder::HcMatchFinder;
use glz::sequence::EncodeSequence;

fn zero() -> EncodeSequence {
    EncodeSequence::default()
}

#[test]
fn finder_finds_nothing_in_an_empty_table() {
    let src = b"abcdabcdabcdabcdabcdabcd";
    let mut table = HcMatchFinder::new(1 << 18, 20, 3, 100);
    let mut seq = zero();
    assert!(!table.longest_four_match(src, 0, 0, &mut seq));
    assert_eq!((seq.start, seq.ll, seq.ml, seq.ol, seq.cost), (0, 0, 0, 0, 0));
}

#[test]
fn finder_skips_position_zero_and_near_offsets() {
    let src = b"abcdabcdabcdabcdabcdabcd";
    let mut table = HcMatchFinder::new(1 << 18, 20, 3, 100);
    let mut seq = zero();
    for pos in 0..5 {
        assert!(!table.longest_four_match(src, pos, pos, &mut seq));
    }
    assert!(table.longest_four_match(src, 5, 5, &mut seq));
    assert_eq!((seq.start, seq.ml, seq.ol), (0, 19, 4));
}

#[test]
fn finder_rejects_distances_up_to_three() {
    let src = [7u8; 64];
    let mut table = HcMatchFinder::new(1 << 18, 20, 3, 100);
    let mut seq = zero();
    for pos in 0..5 {
        assert!(!table.longest_four_match(&src, pos, 0, &mut seq));
    }
    assert!(table.longest_four_match(&src, 5, 2, &mut seq));
    assert_eq!((seq.start, seq.ml, seq.ol), (3, 59, 4));
}

#[test]
fn finder_prefers_the_longer_match() {
    // "abcdefgh" at 0, "abcdXYZW" at 10, "abcdefgh" again at 20.
    let mut src = Vec::new();
    src.extend_from_slice(b"_abcdefgh_");
    src.extend_from_slice(b"abcdXYZW__");
    src.extend_from_slice(b"abcdefgh__________");
    let mut table = HcMatchFinder::new(1 << 18, 20, 3, 100);
    let mut seq = zero();
    for pos in 0..20 {
        seq.ml = 0;
        table.longest_four_match(&src, pos, 0, &mut seq);
    }
    seq.ml = 0;
    assert!(table.longest_four_match(&src, 20, 0, &mut seq));
    assert_eq!((seq.ml, seq.ol), (9, 19));
}

#[test]
fn finder_with_no_depth_finds_nothing() {
    let src = b"abcdabcdabcdabcdabcdabcd";
    let mut table = HcMatchFinder::new(1 << 18, 0, 3, 100);
    let mut seq = zero();
    for pos in 0..10 {
        assert!(!table.longest_four_match(src, pos, 0, &mut seq));
    }
}

#[test]
fn finder_reset_forgets_positions() {
    let src = b"abcdabcdabcdabcdabcdabcd";
    let mut table = HcMatchFinder::new(1 << 18, 20, 3, 100);
    let mut seq = zero();
    for pos in 0..5 {
        table.longest_four_match(src, pos, 0, &mut seq);
    }
    table.reset();
    assert!(!table.longest_four_match(src, 5, 0, &mut seq));
}

#[test]
fn finder_advance_inserts_the_positions_of_a_match() {
    let mut src = Vec::new();
    src.extend_from_slice(b"0123456789ABCDEF");
    src.extend_from_slice(b"0123456789ABCDEF");
    src.extend_from_slice(b"____________");
    let mut with = HcMatchFinder::new(1 << 18, 20, 3, 100);
    let mut without = HcMatchFinder::new(1 << 18, 20, 3, 100);
    let mut seq = zero();
    with.longest_four_match(&src, 0, 0, &mut seq);
    without.longest_four_match(&src, 0, 0, &mut seq);
    with.advance_four_match(&src, 0, 10);
    // Position 5 was inserted by the advance only.
    assert!(with.longest_four_match(&src, 21, 0, &mut seq));
    assert_eq!((seq.ml, seq.ol), (11, 16));
    seq.ml = 0;
    assert!(!without.longest_four_match(&src, 21, 0, &mut seq));
}

#[test]
fn finder_works_with_few_links() {
    let src = b"abcdabcdabcdabcdabcdabcdabcdabcdabcdabcd";
    let mut table = HcMatchFinder::new(3, 20, 3, 100);
    let mut seq = zero();
    let mut found = 0;
    for pos in 0..30 {
        seq.ml = 0;
        if table.longest_four_match(src, pos, 0, &mut seq) {
            assert!(seq.ol > 3 && seq.ol <= pos);
            assert_eq!(&src[pos..pos + seq.ml], &src[pos - seq.ol..pos - seq.ol + seq.ml]);
            found += 1;
        }
    }
    assert!(found > 0);
}

#[test]
fn header_cost_exact_values() {
    assert_eq!(estimate_header_cost(0, 3, 4), 2);
    assert_eq!(estimate_header_cost(7, 10, 7), 2);
    assert_eq!(estimate_header_cost(8, 11, 1024), 4);
    assert_eq!(estimate_header_cost(8, 12, 1028), 6);
    assert_eq!(estimate_header_cost(300, 1000, 70_000), 8);
    assert_eq!(estimate_header_cost(256, 266, 8), 5);
    assert_eq!(estimate_header_cost(257, 267, 8), 7);
}

#[test]
fn list_finder_first_use_of_a_bucket() {
    let src = b"abcdabcdabcdabcdabcdabcd";
    let mut chains = HashChains::new(1 << 17, 17, 16);
    let mut seq = EncodeSequence { start: 9, ll: 9, ml: 9, ol: 9, cost: 9 };
    assert!(!chains.find_longest_match_greedy(src, 1, 1, &mut seq));
    assert_eq!((seq.start, seq.ll, seq.ml, seq.ol, seq.cost), (0, 0, 0, 0, 0));
}

#[test]
fn list_finder_finds_a_match_with_its_cost() {
    let src = b"abcdabcdabcdabcdabcdabcd";
    let mut chains = HashChains::new(1 << 17, 17, 16);
    let mut seq = zero();
    for pos in 1..5 {
        assert!(!chains.find_longest_match_greedy(src, pos, pos, &mut seq));
    }
    assert!(chains.find_longest_match_greedy(src, 5, 5, &mut seq));
    assert_eq!((seq.start, seq.ll, seq.ml, seq.ol, seq.cost), (0, 5, 19, 4, 3));
    assert_eq!(seq.cost as u32, estimate_header_cost(5, 19, 4));
}

#[test]
fn list_finder_picks_the_greatest_gain() {
    let mut src = Vec::new();
    src.extend_from_slice(b"_abcdefgh_");
    src.extend_from_slice(b"abcdXYZW__");
    src.extend_from_slice(b"abcdefgh__________");
    let mut chains = HashChains::new(1 << 17, 17, 16);
    let mut seq = zero();
    for pos in 0..20 {
        chains.find_longest_match_greedy(&src, pos, 0, &mut seq);
    }
    assert!(chains.find_longest_match_greedy(&src, 20, 0, &mut seq));
    assert_eq!((seq.ml, seq.ol, seq.cost), (9, 19, 3));
}

#[test]
fn list_finder_clear_forgets_positions() {
    let src = b"abcdabcdabcdabcdabcdabcd";
    let mut chains = HashChains::new(1 << 17, 17, 16);
    let mut seq = zero();
    for pos in 1..5 {
        chains.find_longest_match_greedy(src, pos, 0, &mut seq);
    }
    chains.clear();
    assert!(!chains.find_longest_match_greedy(src, 5, 0, &mut seq));
    assert!(chains.find_longest_match_greedy(src, 9, 0, &mut seq));
    assert_eq!((seq.ml, seq.ol), (15, 4));
}

#[test]
fn list_finder_with_no_depth_finds_nothing() {
    let src = b"abcdabcdabcdabcdabcdabcd";
    let mut chains = HashChains::new(1 << 17, 17, 0);
    let mut seq = zero();
    for pos in 1..12 {
        assert!(!chains.find_longest_match_greedy(src, pos, 0, &mut seq));
    }
}

fn two_candidates() -> Vec<u8> {
    // "abcdefgh" at 1, "abcdeYZW" at 10, "abcdefgh" again at 20.
    let mut src = Vec::new();
    src.extend_from_slice(b"_abcdefgh_");
    src.extend_from_slice(b"abcdeYZW__");
    src.extend_from_slice(b"abcdefgh__________");
    src
}

fn search_at_twenty(depth: i32, min_length: usize, nice_length: usize) -> Option<(usize, usize)> {
    let src = two_candidates();
    let mut table = HcMatchFinder::new(1 << 18, depth, min_length, nice_length);
    let mut seq = zero();
    for pos in 0..20 {
        seq.ml = 0;
        table.longest_four_match(&src, pos, 0, &mut seq);
    }
    seq.ml = 0;
    if table.longest_four_match(&src, 20, 0, &mut seq) {
        Some((seq.ml, seq.ol))
    } else {
        None
    }
}

#[test]
fn finder_walks_on_to_the_longer_match() {
    assert_eq!(search_at_twenty(20, 3, 100), Some((9, 19)));
}

#[test]
fn finder_stops_at_a_nice_match() {
    assert_eq!(search_at_twenty(20, 3, 4), Some((5, 10)));
    assert_eq!(search_at_twenty(20, 3, 5), Some((9, 19)));
}

#[test]
fn finder_stops_at_its_depth() {
    assert_eq!(search_at_twenty(1, 3, 100), Some((5, 10)));
    assert_eq!(search_at_twenty(2, 3, 100), Some((9, 19)));
}

#[test]
fn finder_passes_over_short_matches() {
    assert_eq!(search_at_twenty(20, 6, 100), Some((9, 19)));
    assert_eq!(search_at_twenty(20, 10, 100), None);
}

#[test]
fn finder_keeps_a_longer_length_given() {
    let src = two_candidates();
    let mut table = HcMatchFinder::new(1 << 18, 20, 3, 100);
    let mut seq = zero();
    for pos in 0..20 {
        seq.ml = 0;
        table.longest_four_match(&src, pos, 0, &mut seq);
    }
    let mut given = EncodeSequence { start: 7, ll: 7, ml: 9, ol: 7, cost: 7 };
    assert!(!table.longest_four_match(&src, 20, 3, &mut given));
    assert_eq!((given.start, given.ll, given.ml, given.ol, given.cost), (7, 7, 9, 7, 7));
}

#[test]
fn finder_sets_the_start_of_the_sequence() {
    let src = two_candidates();
    let mut table = HcMatchFinder::new(1 << 18, 20, 3, 100);
    let mut seq = zero();
    for pos in 0..20 {
        seq.ml = 0;
        table.longest_four_match(&src, pos, 0, &mut seq);
    }
    let mut given = EncodeSequence { start: 0, ll: 6, ml: 0, ol: 0, cost: 5 };
    assert!(table.longest_four_match(&src, 20, 3, &mut given));
    assert_eq!((given.start, given.ll, given.ml, given.ol, given.cost), (17, 6, 9, 19, 5));
}

#[test]
fn list_finder_stops_at_a_great_gain() {
    // Two earlier copies of a long run: the nearer one shares 150 bytes with
    // the position searched, the farther one 200.
    let mut src = Vec::new();
    for i in 0..200u32 {
        src.push((i * 7 % 251) as u8);
    }
    src.extend_from_slice(b"##");
    for i in 0..150u32 {
        src.push((i * 7 % 251) as u8);
    }
    src.extend_from_slice(b"%%");
    let at = src.len();
    for i in 0..200u32 {
        src.push((i * 7 % 251) as u8);
    }
    src.extend_from_slice(b"++++++++");
    let mut chains = HashChains::new(1 << 17, 17, 16);
    let mut seq = zero();
    chains.find_longest_match_greedy(&src, 0, 0, &mut seq);
    chains.find_longest_match_greedy(&src, 202, 0, &mut seq);
    assert!(chains.find_longest_match_greedy(&src, at, 0, &mut seq));
    assert_eq!((seq.ml, seq.ol), (150, at - 202));
}

#[test]
fn list_finder_prefers_the_nearer_of_equal_gains() {
    let src = b"abcdefgh__abcdefgh__abcdefgh________";
    let mut chains = HashChains::new(1 << 17, 17, 16);
    let mut seq = zero();
    for pos in 0..20 {
        chains.find_longest_match_greedy(src, pos, 0, &mut seq);
    }
    assert!(chains.find_longest_match_greedy(src, 20, 0, &mut seq));
    assert_eq!((seq.ml, seq.ol, seq.cost), (10, 10, 3));
}
